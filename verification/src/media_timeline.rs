//! Typed media timeline composition metadata and safe FFmpeg arguments.
use vstd::prelude::*;
use crate::media_processing::{has_extension, media_path_check, MediaPath};
use crate::text::{
    chars_of, decimal, lemma_decimal_len_pos, has_no_control, join, join_strings, no_control, owned, push_char,
    push_decimal, push_str, views,
};
use crate::time::{secs_fixed3, secs_nanos, secs_plain, Duration, MAX_NANOS};

verus! {

#[derive(Debug, Clone, Copy, PartialEq, Eq, Structural)]
pub enum TimelineError {
    UnsafePath,
    UnsupportedFormat,
    EmptyTimeline,
    InvalidTrim,
    InvalidDuration,
    InvalidCaption,
}

#[derive(Debug, Clone, Copy, PartialEq, Eq, Structural)]
pub enum Transition {
    Cut,
    Fade { duration: Duration },
}

#[derive(Debug, Clone, PartialEq, Eq)]
pub struct TimelineClip {
    pub input: MediaPath,
    pub trim_start: Duration,
    pub trim_end: Option<Duration>,
    pub transition: Transition,
}

#[derive(Debug, Clone, PartialEq, Eq)]
pub struct CaptionOverlay {
    pub text: String,
    pub start: Duration,
    pub duration: Duration,
}

impl CaptionOverlay {
    /// A caption of 1 to 512 bytes without control characters, shown for a positive span.
    pub fn new(text: String, start: Duration, duration: Duration) -> (r: Result<
        CaptionOverlay,
        TimelineError,
    >)
        ensures
            r is Ok <==> text@.len() > 0 && crate::text::byte_len(text@) <= 512 && no_control(
                text@,
            ) && duration@ > 0,
            r matches Ok(c) ==> c.text == text && c.start == start && c.duration == duration,
            r matches Err(e) ==> e == TimelineError::InvalidCaption,
    {
        if text.as_str().is_empty() || text.as_str().len() > 512 || !has_no_control(text.as_str())
            || duration.is_zero() {
            return Err(TimelineError::InvalidCaption);
        }
        Ok(CaptionOverlay { text, start, duration })
    }
}

#[derive(Debug, Clone, PartialEq, Eq)]
pub struct TimelineSpec {
    pub output: MediaPath,
    pub clips: Vec<TimelineClip>,
    pub captions: Vec<CaptionOverlay>,
    pub music: Option<MediaPath>,
    pub max_duration: Duration,
}

pub open spec fn video_outputs() -> Seq<Seq<char>> {
    seq!["mp4"@, "webm"@, "mkv"@]
}

pub open spec fn video_inputs() -> Seq<Seq<char>> {
    seq!["mp4"@, "mov"@, "webm"@, "mkv"@]
}

pub open spec fn audio_inputs() -> Seq<Seq<char>> {
    seq!["mp3"@, "wav"@, "m4a"@, "aac"@, "ogg"@]
}

/// The span a clip contributes: from its start to its end (a day when open).
pub open spec fn clip_span(c: TimelineClip) -> nat {
    let end = match c.trim_end {
        Some(e) => e@,
        None => secs_nanos(86_400),
    };
    if end >= c.trim_start@ {
        (end - c.trim_start@) as nat
    } else {
        0
    }
}

/// The clips' spans added up, saturating at the largest span.
pub open spec fn total_span(clips: Seq<TimelineClip>) -> nat
    decreases clips.len(),
{
    if clips.len() == 0 {
        0
    } else {
        let t = total_span(clips.drop_last()) + clip_span(clips.last());
        if t > MAX_NANOS {
            MAX_NANOS as nat
        } else {
            t
        }
    }
}

/// The trimmed length of a timeline, at most its maximum duration.
pub open spec fn trimmed_duration(t: TimelineSpec) -> nat {
    let total = total_span(t.clips@);
    if total < t.max_duration@ {
        total
    } else {
        t.max_duration@
    }
}

/// The escaped caption text: `\`, `:`, `'` and `%` are preceded by a backslash.
pub open spec fn escape_drawtext(s: Seq<char>) -> Seq<char>
    decreases s.len(),
{
    if s.len() == 0 {
        s
    } else {
        let c = s.last();
        escape_drawtext(s.drop_last()) + if c == '\\' || c == ':' || c == '\'' || c == '%' {
            seq!['\\', c]
        } else {
            seq![c]
        }
    }
}

pub open spec fn clip_filter(i: nat, c: TimelineClip) -> Seq<char> {
    "["@ + decimal(i) + ":v]trim=start="@ + secs_fixed3(c.trim_start@) + match c.trim_end {
        Some(e) => ":end="@ + secs_fixed3(e@),
        None => Seq::empty(),
    } + ",setpts=PTS-STARTPTS[v"@ + decimal(i) + "]"@
}

/// `[v0][v1]...` for `n` clips.
pub open spec fn clip_labels(n: nat) -> Seq<char>
    decreases n,
{
    if n == 0 {
        Seq::empty()
    } else {
        clip_labels((n - 1) as nat) + "[v"@ + decimal((n - 1) as nat) + "]"@
    }
}

pub open spec fn caption_filter(c: CaptionOverlay) -> Seq<char> {
    "[v]drawtext=text='"@ + escape_drawtext(c.text@) + "':enable='between(t,"@ + secs_fixed3(
        c.start@,
    ) + ","@ + secs_fixed3(c.start@ + c.duration@) + ")'[v]"@
}

/// The filter graph: one trim per clip, their concatenation, then one text overlay per caption.
pub open spec fn timeline_filters(t: TimelineSpec) -> Seq<Seq<char>> {
    Seq::new(t.clips@.len(), |i: int| clip_filter(i as nat, t.clips@[i])) + seq![
        clip_labels(t.clips@.len()) + "concat=n="@ + decimal(t.clips@.len()) + ":v=1:a=0[v]"@,
    ] + t.captions@.map_values(|c: CaptionOverlay| caption_filter(c))
}

/// The FFmpeg arguments of a timeline with at least one clip.
pub open spec fn timeline_args(t: TimelineSpec) -> Seq<Seq<char>> {
    seq!["-hide_banner"@, "-nostdin"@, "-y"@] + Seq::new(
        2 * t.clips@.len(),
        |k: int| if k % 2 == 0 {
            "-i"@
        } else {
            t.clips@[k / 2].input@
        },
    ) + match t.music {
        Some(m) => seq!["-stream_loop"@, "-1"@, "-i"@, m@],
        None => seq![],
    } + seq!["-filter_complex"@, join(timeline_filters(t), ";"@), "-map"@, "[v]"@] + match t.music {
        Some(_) => seq!["-map"@, decimal(t.clips@.len()) + ":a:0"@, "-shortest"@],
        None => seq![],
    } + seq![
        "-c:v"@,
        "libx264"@,
        "-c:a"@,
        "aac"@,
        "-t"@,
        secs_plain(trimmed_duration(t)),
        t.output@,
    ]
}

/// The arguments open with `-hide_banner -nostdin -y`, then give each clip as `-i` and its
/// input in clip order, then (with music) the looped music input; they end with the output,
/// and `-shortest` is among them when there is music.
pub proof fn lemma_timeline_args_shape(t: TimelineSpec)
    ensures
        ({
            let a = timeline_args(t);
            let n = t.clips@.len() as int;
            &&& a.len() >= 3 + 2 * n + 11
            &&& a[0] == "-hide_banner"@ && a[1] == "-nostdin"@ && a[2] == "-y"@
            &&& forall|k: int| 0 <= k < n ==> a[3 + 2 * k] == "-i"@ && #[trigger] a[4 + 2 * k] == t.clips@[k].input@
            &&& a.last() == t.output@
            &&& (t.music matches Some(m) ==> a[3 + 2 * n] == "-stream_loop"@ && a[5 + 2 * n] == "-i"@ && a[6
                + 2 * n] == m@ && a.contains("-shortest"@))
        }),
{
    let a = timeline_args(t);
    let n = t.clips@.len() as int;
    let head = seq!["-hide_banner"@, "-nostdin"@, "-y"@];
    let inputs = Seq::new(
        2 * t.clips@.len(),
        |k: int| if k % 2 == 0 {
            "-i"@
        } else {
            t.clips@[k / 2].input@
        },
    );
    assert forall|k: int| 0 <= k < n implies a[3 + 2 * k] == "-i"@ && #[trigger] a[4 + 2 * k]
        == t.clips@[k].input@ by {
        assert(a[3 + 2 * k] == inputs[2 * k]);
        assert(a[4 + 2 * k] == inputs[2 * k + 1]);
        assert((2 * k + 1) / 2 == k);
        assert((2 * k) % 2 == 0);
        assert((2 * k + 1) % 2 == 1);
    }
    if let Some(m) = t.music {
        let mid = head + inputs + seq!["-stream_loop"@, "-1"@, "-i"@, m@];
        let mid2 = mid + seq!["-filter_complex"@, join(timeline_filters(t), ";"@), "-map"@, "[v]"@];
        let mid3 = mid2 + seq!["-map"@, decimal(t.clips@.len()) + ":a:0"@, "-shortest"@];
        assert(a[mid2.len() as int + 2] == "-shortest"@);
    }
}

/// Each caption's overlay is enabled from its start to its start plus its duration: the
/// filter for caption `k` comes after the clip trims and their concatenation, and its
/// `between(t,...)` window is the three-decimal seconds of `start` and of `start + duration`.
pub proof fn lemma_caption_window(t: TimelineSpec, k: int)
    requires
        0 <= k < t.captions@.len(),
    ensures
        ({
            let c = t.captions@[k];
            let f = timeline_filters(t)[t.clips@.len() + 1 + k];
            exists|pre: Seq<char>|
                f == pre + "':enable='between(t,"@ + secs_fixed3(c.start@) + ","@ + secs_fixed3(
                    c.start@ + c.duration@,
                ) + ")'[v]"@
        }),
{
    let c = t.captions@[k];
    let n = t.clips@.len() as int;
    let fs = timeline_filters(t);
    assert(fs[n + 1 + k] == caption_filter(c));
    let pre = "[v]drawtext=text='"@ + escape_drawtext(c.text@);
    assert(caption_filter(c) =~= pre + "':enable='between(t,"@ + secs_fixed3(c.start@) + ","@ + secs_fixed3(
        c.start@ + c.duration@,
    ) + ")'[v]"@);
}

/// Each clip is trimmed from its own start: the filter for clip `k` reads input `k`, and its
/// `trim` starts at the three-decimal seconds of the clip's trim start and (when there is
/// one) ends at those of its trim end.
pub proof fn lemma_clip_trim(t: TimelineSpec, k: int)
    requires
        0 <= k < t.clips@.len(),
    ensures
        ({
            let c = t.clips@[k];
            let f = timeline_filters(t)[k];
            let p = "["@ + decimal(k as nat) + ":v]trim=start="@ + secs_fixed3(c.trim_start@) + match c.trim_end {
                Some(e) => ":end="@ + secs_fixed3(e@),
                None => Seq::empty(),
            };
            p.len() <= f.len() && f.take(p.len() as int) == p
        }),
{
    let c = t.clips@[k];
    let fs = timeline_filters(t);
    assert(fs[k] == clip_filter(k as nat, c));
    let p = "["@ + decimal(k as nat) + ":v]trim=start="@ + secs_fixed3(c.trim_start@) + match c.trim_end {
        Some(e) => ":end="@ + secs_fixed3(e@),
        None => Seq::empty(),
    };
    let rest = ",setpts=PTS-STARTPTS[v"@ + decimal(k as nat) + "]"@;
    assert(clip_filter(k as nat, c) =~= p + rest);
    assert((p + rest).take(p.len() as int) =~= p);
}

/// How many arguments equal `x`.
pub open spec fn arg_count(s: Seq<Seq<char>>, x: Seq<char>) -> nat
    decreases s.len(),
{
    if s.len() == 0 {
        0
    } else {
        arg_count(s.drop_last(), x) + if s.last() == x {
            1nat
        } else {
            0nat
        }
    }
}

pub(crate) proof fn lemma_arg_count_add(a: Seq<Seq<char>>, b: Seq<Seq<char>>, x: Seq<char>)
    ensures
        arg_count(a + b, x) == arg_count(a, x) + arg_count(b, x),
    decreases b.len(),
{
    if b.len() == 0 {
        assert(a + b =~= a);
    } else {
        lemma_arg_count_add(a, b.drop_last(), x);
        assert((a + b).drop_last() =~= a + b.drop_last());
        assert((a + b).last() == b.last());
    }
}

pub(crate) proof fn lemma_arg_count_none(s: Seq<Seq<char>>, x: Seq<char>)
    requires
        forall|i: int| 0 <= i < s.len() ==> s[i] != x,
    ensures
        arg_count(s, x) == 0,
    decreases s.len(),
{
    if s.len() > 0 {
        lemma_arg_count_none(s.drop_last(), x);
    }
}

proof fn lemma_arg_count_contains(s: Seq<Seq<char>>, x: Seq<char>)
    ensures
        arg_count(s, x) > 0 <==> s.contains(x),
    decreases s.len(),
{
    if s.len() > 0 {
        lemma_arg_count_contains(s.drop_last(), x);
        if s.drop_last().contains(x) {
            let i = choose|i: int| 0 <= i < s.drop_last().len() && s.drop_last()[i] == x;
            assert(s[i] == x);
        }
        if s.contains(x) && s.last() != x {
            let i = choose|i: int| 0 <= i < s.len() && s[i] == x;
            assert(s.drop_last()[i] == x);
        }
    }
}

proof fn lemma_join_first(parts: Seq<Seq<char>>, sep: Seq<char>)
    requires
        parts.len() > 0,
        parts[0].len() > 0,
    ensures
        join(parts, sep).len() > 0,
        join(parts, sep)[0] == parts[0][0],
    decreases parts.len(),
{
    if parts.len() > 1 {
        lemma_join_first(parts.drop_last(), sep);
    }
}

pub(crate) proof fn lemma_arg_count_one(v: Seq<char>, x: Seq<char>)
    ensures
        arg_count(seq![v], x) == if v == x {
            1nat
        } else {
            0nat
        },
{
    let s = seq![v];
    assert(s.drop_last() =~= Seq::<Seq<char>>::empty());
    assert(s.len() == 1 && s.last() == v);
    assert(arg_count(s.drop_last(), x) == 0);
}

/// An argument that is neither `-i` nor `-shortest`: one not starting with `-`, or one whose
/// length or characters set it apart.
pub(crate) proof fn lemma_not_flag(v: Seq<char>)
    requires
        (v.len() > 0 && v[0] != '-') || ((v.len() != 2 || v[1] != 'i') && (v.len() != 9 || v[8] != 't')),
    ensures
        v != "-i"@,
        v != "-shortest"@,
{
    reveal_strlit("-i");
    reveal_strlit("-shortest");
    if v == "-i"@ {
        assert(v[0] == '-' && v[1] == 'i');
    }
    if v == "-shortest"@ {
        assert(v[0] == '-' && v[8] == 't');
    }
}

/// The clip inputs: each `-i` and the input, for the first `k` clips.
pub open spec fn input_args(t: TimelineSpec, k: nat) -> Seq<Seq<char>> {
    Seq::new(2 * k, |j: int| if j % 2 == 0 {
        "-i"@
    } else {
        t.clips@[j / 2].input@
    })
}

proof fn lemma_input_args(t: TimelineSpec, k: nat)
    requires
        k <= t.clips@.len(),
        forall|i: int| 0 <= i < t.clips@.len() ==> (#[trigger] t.clips@[i]).input@ != "-i"@
            && t.clips@[i].input@ != "-shortest"@,
    ensures
        arg_count(input_args(t, k), "-i"@) == k,
        arg_count(input_args(t, k), "-shortest"@) == 0,
    decreases k,
{
    if k == 0 {
        assert(input_args(t, 0) =~= Seq::<Seq<char>>::empty());
    } else {
        let j = (k - 1) as nat;
        lemma_input_args(t, j);
        let c = t.clips@[j as int].input@;
        assert(c != "-i"@ && c != "-shortest"@);
        assert(input_args(t, k) =~= input_args(t, j) + (seq!["-i"@] + seq![c])) by {
            assert forall|q: int| 0 <= q < 2 * k implies #[trigger] input_args(t, k)[q] == (input_args(t, j)
                + (seq!["-i"@] + seq![c]))[q] by {
                if q >= 2 * j {
                    assert((2 * j) % 2 == 0);
                    assert((2 * j + 1) % 2 == 1 && (2 * j + 1) / 2 == j);
                }
            }
        }
        lemma_not_flag_i();
        lemma_arg_count_one("-i"@, "-i"@);
        lemma_arg_count_one("-i"@, "-shortest"@);
        lemma_arg_count_one(c, "-i"@);
        lemma_arg_count_one(c, "-shortest"@);
        lemma_arg_count_add(seq!["-i"@], seq![c], "-i"@);
        lemma_arg_count_add(seq!["-i"@], seq![c], "-shortest"@);
        lemma_arg_count_add(input_args(t, j), seq!["-i"@] + seq![c], "-i"@);
        lemma_arg_count_add(input_args(t, j), seq!["-i"@] + seq![c], "-shortest"@);
    }
}

pub(crate) proof fn lemma_not_flag_i()
    ensures
        "-i"@ != "-shortest"@,
{
    reveal_strlit("-i");
    reveal_strlit("-shortest");
    assert("-i"@.len() != "-shortest"@.len());
}

/// No path of the timeline is itself `-i` or `-shortest`.
pub open spec fn paths_not_flags(t: TimelineSpec) -> bool {
    &&& forall|i: int| 0 <= i < t.clips@.len() ==> (#[trigger] t.clips@[i]).input@ != "-i"@
        && t.clips@[i].input@ != "-shortest"@
    &&& t.output@ != "-i"@ && t.output@ != "-shortest"@
    &&& (t.music matches Some(m) ==> m@ != "-i"@ && m@ != "-shortest"@)
}

proof fn lemma_counts_none(s: Seq<Seq<char>>)
    requires
        forall|i: int| 0 <= i < s.len() ==> #[trigger] s[i] != "-i"@ && s[i] != "-shortest"@,
    ensures
        arg_count(s, "-i"@) == 0,
        arg_count(s, "-shortest"@) == 0,
{
    lemma_arg_count_none(s, "-i"@);
    lemma_arg_count_none(s, "-shortest"@);
}

/// The arguments name one input per clip plus one for the music: `-i` occurs that many
/// times; and `-shortest` occurs exactly when there is music. (Paths named like these two
/// flags would be counted too, so they are left out.)
pub proof fn lemma_timeline_arg_counts(t: TimelineSpec)
    requires
        t.clips@.len() > 0,
        paths_not_flags(t),
        secs_plain(trimmed_duration(t)).len() > 0,
        '0' <= secs_plain(trimmed_duration(t))[0] <= '9',
    ensures
        arg_count(timeline_args(t), "-i"@) == t.clips@.len() + if t.music is Some {
            1nat
        } else {
            0nat
        },
        timeline_args(t).contains("-shortest"@) <==> t.music is Some,
{
    reveal_strlit("-hide_banner");
    reveal_strlit("-nostdin");
    reveal_strlit("-y");
    reveal_strlit("-stream_loop");
    reveal_strlit("-1");
    reveal_strlit("-filter_complex");
    reveal_strlit("-map");
    reveal_strlit("[v]");
    reveal_strlit(":a:0");
    reveal_strlit("-c:v");
    reveal_strlit("libx264");
    reveal_strlit("-c:a");
    reveal_strlit("aac");
    reveal_strlit("-t");
    reveal_strlit("[");
    lemma_not_flag_i();
    let n = t.clips@.len();
    let head = seq!["-hide_banner"@, "-nostdin"@, "-y"@];
    lemma_not_flag("-hide_banner"@);
    lemma_not_flag("-nostdin"@);
    lemma_not_flag("-y"@);
    assert forall|i: int| 0 <= i < head.len() implies #[trigger] head[i] != "-i"@ && head[i] != "-shortest"@ by {
        if i == 0 {
        } else if i == 1 {
        } else {
        }
    }
    lemma_counts_none(head);
    let inputs = input_args(t, n);
    lemma_input_args(t, n);
    let music_in = match t.music {
        Some(m) => seq!["-stream_loop"@, "-1"@, "-i"@, m@],
        None => seq![],
    };
    let fs = timeline_filters(t);
    assert(fs[0] == clip_filter(0, t.clips@[0]));
    assert(clip_filter(0, t.clips@[0])[0] == '[');
    lemma_join_first(fs, ";"@);
    let j = join(fs, ";"@);
    lemma_not_flag(j);
    lemma_not_flag("-filter_complex"@);
    lemma_not_flag("-map"@);
    lemma_not_flag("[v]"@);
    let graph = seq!["-filter_complex"@, j, "-map"@, "[v]"@];
    assert forall|i: int| 0 <= i < graph.len() implies #[trigger] graph[i] != "-i"@ && graph[i] != "-shortest"@ by {
        if i == 0 {
        } else if i == 1 {
        } else if i == 2 {
        } else {
        }
    }
    lemma_counts_none(graph);
    let label = decimal(n) + ":a:0"@;
    lemma_decimal_len_pos(n);
    assert(label.len() >= 5 && label[label.len() - 1] == '0');
    lemma_not_flag(label);
    let music_map = match t.music {
        Some(_) => seq!["-map"@, label, "-shortest"@],
        None => seq![],
    };
    let secs = secs_plain(trimmed_duration(t));
    lemma_not_flag(secs);
    lemma_not_flag("-c:v"@);
    lemma_not_flag("libx264"@);
    lemma_not_flag("-c:a"@);
    lemma_not_flag("aac"@);
    lemma_not_flag("-t"@);
    let tail = seq!["-c:v"@, "libx264"@, "-c:a"@, "aac"@, "-t"@, secs, t.output@];
    assert forall|i: int| 0 <= i < tail.len() implies #[trigger] tail[i] != "-i"@ && tail[i] != "-shortest"@ by {
        if i == 0 {
        } else if i == 1 {
        } else if i == 2 {
        } else if i == 3 {
        } else if i == 4 {
        } else if i == 5 {
        } else {
        }
    }
    lemma_counts_none(tail);
    assert(timeline_args(t) =~= head + inputs + music_in + graph + music_map + tail);
    let x = "-i"@;
    let y = "-shortest"@;
    if let Some(m) = t.music {
        lemma_not_flag("-stream_loop"@);
        lemma_not_flag("-1"@);
        let p = seq!["-stream_loop"@, "-1"@];
        assert forall|i: int| 0 <= i < p.len() implies #[trigger] p[i] != "-i"@ && p[i] != "-shortest"@ by {
            if i == 0 {
            } else {
            }
        }
        lemma_counts_none(p);
        assert(music_in =~= p + seq!["-i"@] + seq![m@]);
        lemma_arg_count_one("-i"@, x);
        lemma_arg_count_one("-i"@, y);
        lemma_arg_count_one(m@, x);
        lemma_arg_count_one(m@, y);
        lemma_arg_count_add(p, seq!["-i"@], x);
        lemma_arg_count_add(p + seq!["-i"@], seq![m@], x);
        lemma_arg_count_add(p, seq!["-i"@], y);
        lemma_arg_count_add(p + seq!["-i"@], seq![m@], y);
        let q = seq!["-map"@, label];
        assert forall|i: int| 0 <= i < q.len() implies #[trigger] q[i] != "-i"@ && q[i] != "-shortest"@ by {
            if i == 0 {
            } else {
            }
        }
        lemma_counts_none(q);
        assert(music_map =~= q + seq!["-shortest"@]);
        lemma_arg_count_one("-shortest"@, x);
        lemma_arg_count_one("-shortest"@, y);
        lemma_arg_count_add(q, seq!["-shortest"@], x);
        lemma_arg_count_add(q, seq!["-shortest"@], y);
    } else {
        assert(music_in =~= Seq::<Seq<char>>::empty());
        assert(music_map =~= Seq::<Seq<char>>::empty());
    }
    lemma_arg_count_add(head, inputs, x);
    lemma_arg_count_add(head + inputs, music_in, x);
    lemma_arg_count_add(head + inputs + music_in, graph, x);
    lemma_arg_count_add(head + inputs + music_in + graph, music_map, x);
    lemma_arg_count_add(head + inputs + music_in + graph + music_map, tail, x);
    lemma_arg_count_add(head, inputs, y);
    lemma_arg_count_add(head + inputs, music_in, y);
    lemma_arg_count_add(head + inputs + music_in, graph, y);
    lemma_arg_count_add(head + inputs + music_in + graph, music_map, y);
    lemma_arg_count_add(head + inputs + music_in + graph + music_map, tail, y);
    lemma_arg_count_contains(timeline_args(t), y);
}

fn in_list(p: &MediaPath, allowed: &[&str]) -> (r: bool)
    ensures
        r == (crate::media_processing::path_extension(p@) matches Some(e) && exists|i: int|
            0 <= i < allowed@.len() && allowed@[i]@ == e),
{
    match p.extension() {
        None => false,
        Some(e) => {
            let mut i: usize = 0;
            while i < allowed.len()
                invariant
                    i <= allowed@.len(),
                    crate::media_processing::path_extension(p@) == Some(e@),
                    forall|j: int| 0 <= j < i ==> allowed@[j]@ != e@,
                decreases allowed@.len() - i,
            {
                if crate::text::str_eq(allowed[i], e.as_str()) {
                    assert(allowed@[i as int]@ == e@);
                    return true;
                }
                i = i + 1;
            }
            false
        },
    }
}

proof fn lemma_list(e: Seq<char>, allowed: Seq<Seq<char>>, given: Seq<&str>)
    requires
        given.len() == allowed.len(),
        forall|i: int| 0 <= i < given.len() ==> given[i]@ == #[trigger] allowed[i],
    ensures
        (exists|i: int| 0 <= i < given.len() && given[i]@ == e) == allowed.contains(e),
{
    if allowed.contains(e) {
        let k = choose|k: int| 0 <= k < allowed.len() && allowed[k] == e;
        assert(given[k]@ == e);
    }
    if exists|i: int| 0 <= i < given.len() && given[i]@ == e {
        let k = choose|k: int| 0 <= k < given.len() && given[k]@ == e;
        assert(allowed[k] == e);
    }
}

fn escape_text(s: &str) -> (r: String)
    ensures
        r@ == escape_drawtext(s@),
{
    let v = chars_of(s);
    let mut r = String::new();
    let mut i: usize = 0;
    while i < v.len()
        invariant
            v@ == s@,
            i <= v.len(),
            r@ == escape_drawtext(s@.take(i as int)),
        decreases v.len() - i,
    {
        let c = v[i];
        if c == '\\' || c == ':' || c == '\'' || c == '%' {
            push_char(&mut r, '\\');
        }
        push_char(&mut r, c);
        proof {
            let t = s@.take(i + 1);
            assert(t.drop_last() =~= s@.take(i as int));
            assert(t.last() == c);
        }
        i = i + 1;
        assert(r@ =~= escape_drawtext(s@.take(i as int)));
    }
    assert(s@.take(v.len() as int) =~= s@);
    r
}

fn push_arg(args: &mut Vec<String>, a: &str)
    ensures
        views(final(args)@) == views(old(args)@).push(a@),
{
    args.push(owned(a));
    assert(views(args@) =~= views(old(args)@).push(a@));
}

fn push_owned(args: &mut Vec<String>, a: String)
    ensures
        views(final(args)@) == views(old(args)@).push(a@),
{
    args.push(a);
    assert(views(args@) =~= views(old(args)@).push(a@));
}

impl TimelineSpec {
    /// An empty timeline rendering to a video file (`mp4`, `webm` or `mkv`), at most a day long.
    pub fn new(output: &str) -> (r: Result<TimelineSpec, TimelineError>)
        ensures
            match r {
                Ok(t) => media_path_check(output@) is Ok && has_extension(output@, video_outputs())
                    && t.output@ == output@ && t.clips@.len() == 0 && t.captions@.len() == 0
                    && t.music is None && t.max_duration@ == secs_nanos(86_400),
                Err(e) => e == if media_path_check(output@) is Err {
                    TimelineError::UnsafePath
                } else {
                    TimelineError::UnsupportedFormat
                } && !(media_path_check(output@) is Ok && has_extension(
                    output@,
                    video_outputs(),
                )),
            },
    {
        let output = match MediaPath::new(output) {
            Ok(p) => p,
            Err(_) => {
                return Err(TimelineError::UnsafePath);
            },
        };
        let allowed = ["mp4", "webm", "mkv"];
        proof {
            if let Some(e) = crate::media_processing::path_extension(output@) {
                lemma_list(e, video_outputs(), allowed@);
            }
        }
        if !in_list(&output, &allowed) {
            return Err(TimelineError::UnsupportedFormat);
        }
        Ok(
            TimelineSpec {
                output,
                clips: Vec::new(),
                captions: Vec::new(),
                music: None,
                max_duration: Duration::from_secs(86_400),
            },
        )
    }

    /// Appends a clip of a video file trimmed to `[trim_start, trim_end)`, with a transition
    /// shorter than the trimmed clip.
    pub fn add_clip(
        self,
        input: &str,
        trim_start: Duration,
        trim_end: Option<Duration>,
        transition: Transition,
    ) -> (r: Result<TimelineSpec, TimelineError>)
        ensures
            match r {
                Ok(t) => media_path_check(input@) is Ok && has_extension(input@, video_inputs())
                    && !(trim_end matches Some(end) && end@ <= trim_start@) && !(
                transition matches Transition::Fade { duration } && (duration@ == 0 || (
                trim_end matches Some(end) && duration@ >= end@ - trim_start@))) && t == (
                TimelineSpec { clips: t.clips, ..self }) && t.clips@.len() == self.clips@.len() + 1
                    && t.clips@.drop_last() == self.clips@ && t.clips@.last().input@ == input@
                    && t.clips@.last().trim_start == trim_start && t.clips@.last().trim_end
                    == trim_end && t.clips@.last().transition == transition,
                Err(e) => e == if media_path_check(input@) is Err {
                    TimelineError::UnsafePath
                } else if !has_extension(input@, video_inputs()) {
                    TimelineError::UnsupportedFormat
                } else if trim_end matches Some(end) && end@ <= trim_start@ {
                    TimelineError::InvalidTrim
                } else {
                    TimelineError::InvalidDuration
                },
            },
    {
        let path = match MediaPath::new(input) {
            Ok(p) => p,
            Err(_) => {
                return Err(TimelineError::UnsafePath);
            },
        };
        let allowed = ["mp4", "mov", "webm", "mkv"];
        proof {
            if let Some(e) = crate::media_processing::path_extension(path@) {
                lemma_list(e, video_inputs(), allowed@);
            }
        }
        if !in_list(&path, &allowed) {
            return Err(TimelineError::UnsupportedFormat);
        }
        if let Some(end) = trim_end {
            if !trim_start.shorter_than(&end) {
                return Err(TimelineError::InvalidTrim);
            }
        }
        if let Transition::Fade { duration } = transition {
            if duration.is_zero() {
                return Err(TimelineError::InvalidDuration);
            }
            if let Some(end) = trim_end {
                let span = end.saturating_sub(trim_start);
                if !duration.shorter_than(&span) {
                    return Err(TimelineError::InvalidDuration);
                }
            }
        }
        let mut t = self;
        t.clips.push(TimelineClip { input: path, trim_start, trim_end, transition });
        assert(t.clips@.drop_last() =~= self.clips@);
        Ok(t)
    }

    pub fn caption(self, caption: CaptionOverlay) -> (r: TimelineSpec)
        ensures
            r == (TimelineSpec { captions: r.captions, ..self }),
            r.captions@ == self.captions@.push(caption),
    {
        let mut t = self;
        t.captions.push(caption);
        t
    }

    /// Sets the background music, an audio file (`mp3`, `wav`, `m4a`, `aac` or `ogg`).
    pub fn music(self, input: &str) -> (r: Result<TimelineSpec, TimelineError>)
        ensures
            match r {
                Ok(t) => media_path_check(input@) is Ok && has_extension(input@, audio_inputs())
                    && t == (TimelineSpec { music: t.music, ..self }) && (t.music matches Some(m)
                    && m@ == input@),
                Err(e) => e == if media_path_check(input@) is Err {
                    TimelineError::UnsafePath
                } else {
                    TimelineError::UnsupportedFormat
                } && !(media_path_check(input@) is Ok && has_extension(input@, audio_inputs())),
            },
    {
        let path = match MediaPath::new(input) {
            Ok(p) => p,
            Err(_) => {
                return Err(TimelineError::UnsafePath);
            },
        };
        let allowed = ["mp3", "wav", "m4a", "aac", "ogg"];
        proof {
            if let Some(e) = crate::media_processing::path_extension(path@) {
                lemma_list(e, audio_inputs(), allowed@);
            }
        }
        if !in_list(&path, &allowed) {
            return Err(TimelineError::UnsupportedFormat);
        }
        let mut t = self;
        t.music = Some(path);
        Ok(t)
    }

    /// The clips' trimmed spans added up, at most the maximum duration.
    pub fn total_trimmed_duration(&self) -> (r: Result<Duration, TimelineError>)
        ensures
            r is Err <==> self.clips@.len() == 0,
            r matches Err(e) ==> e == TimelineError::EmptyTimeline,
            r matches Ok(d) ==> d@ == trimmed_duration(*self),
    {
        if self.clips.len() == 0 {
            return Err(TimelineError::EmptyTimeline);
        }
        let day = Duration::from_secs(86_400);
        let mut total = Duration::zero();
        let mut i: usize = 0;
        while i < self.clips.len()
            invariant
                i <= self.clips@.len(),
                day@ == secs_nanos(86_400),
                total@ == total_span(self.clips@.take(i as int)),
            decreases self.clips@.len() - i,
        {
            let clip = &self.clips[i];
            let end = match clip.trim_end {
                Some(e) => e,
                None => day,
            };
            let span = end.saturating_sub(clip.trim_start);
            total = total.saturating_add(span);
            proof {
                let t = self.clips@.take(i + 1);
                assert(t.drop_last() =~= self.clips@.take(i as int));
                assert(t.last() == self.clips@[i as int]);
            }
            i = i + 1;
        }
        assert(self.clips@.take(self.clips@.len() as int) =~= self.clips@);
        if total.shorter_than(&self.max_duration) {
            Ok(total)
        } else {
            Ok(self.max_duration)
        }
    }

    fn clip_filter_text(i: usize, clip: &TimelineClip) -> (s: String)
        ensures
            s@ == clip_filter(i as nat, *clip),
    {
        let mut s = owned("[");
        push_decimal(&mut s, i as u64);
        push_str(&mut s, ":v]trim=start=");
        clip.trim_start.push_secs_fixed3(&mut s);
        if let Some(end) = clip.trim_end {
            push_str(&mut s, ":end=");
            end.push_secs_fixed3(&mut s);
        }
        push_str(&mut s, ",setpts=PTS-STARTPTS[v");
        push_decimal(&mut s, i as u64);
        push_str(&mut s, "]");
        assert(s@ =~= clip_filter(i as nat, *clip));
        s
    }

    fn caption_filter_text(caption: &CaptionOverlay) -> (s: String)
        requires
            caption.start@ + caption.duration@ <= MAX_NANOS,
        ensures
            s@ == caption_filter(*caption),
    {
        let mut s = owned("[v]drawtext=text='");
        let e = escape_text(caption.text.as_str());
        push_str(&mut s, e.as_str());
        push_str(&mut s, "':enable='between(t,");
        caption.start.push_secs_fixed3(&mut s);
        push_str(&mut s, ",");
        let end = caption.start.saturating_add(caption.duration);
        end.push_secs_fixed3(&mut s);
        push_str(&mut s, ")'[v]");
        assert(s@ =~= caption_filter(*caption));
        s
    }

    fn filters(&self) -> (v: Vec<String>)
        requires
            forall|k: int|
                0 <= k < self.captions@.len() ==> (#[trigger] self.captions@[k]).start@
                    + self.captions@[k].duration@ <= MAX_NANOS,
        ensures
            views(v@) == timeline_filters(*self),
    {
        let mut v: Vec<String> = Vec::new();
        let n = self.clips.len();
        let mut i: usize = 0;
        while i < n
            invariant
                n == self.clips@.len(),
                i <= n,
                views(v@) == Seq::new(i as nat, |k: int| clip_filter(k as nat, self.clips@[k])),
            decreases n - i,
        {
            push_owned(&mut v, Self::clip_filter_text(i, &self.clips[i]));
            i = i + 1;
            assert(views(v@) =~= Seq::new(i as nat, |k: int| clip_filter(k as nat, self.clips@[k])));
        }
        let mut labels = String::new();
        let mut j: usize = 0;
        while j < n
            invariant
                j <= n,
                labels@ == clip_labels(j as nat),
            decreases n - j,
        {
            push_str(&mut labels, "[v");
            push_decimal(&mut labels, j as u64);
            push_str(&mut labels, "]");
            j = j + 1;
            assert(labels@ =~= clip_labels(j as nat));
        }
        push_str(&mut labels, "concat=n=");
        push_decimal(&mut labels, n as u64);
        push_str(&mut labels, ":v=1:a=0[v]");
        let ghost before = views(v@);
        push_owned(&mut v, labels);
        let ghost mid = views(v@);
        let mut k: usize = 0;
        while k < self.captions.len()
            invariant
                k <= self.captions@.len(),
                forall|q: int|
                    0 <= q < self.captions@.len() ==> (#[trigger] self.captions@[q]).start@
                        + self.captions@[q].duration@ <= MAX_NANOS,
                views(v@) == mid + self.captions@.take(k as int).map_values(
                    |c: CaptionOverlay| caption_filter(c),
                ),
            decreases self.captions@.len() - k,
        {
            let ghost prev = views(v@);
            push_owned(&mut v, Self::caption_filter_text(&self.captions[k]));
            k = k + 1;
            assert(views(v@) =~= mid + self.captions@.take(k as int).map_values(
                |c: CaptionOverlay| caption_filter(c),
            ));
        }
        assert(self.captions@.take(self.captions@.len() as int) =~= self.captions@);
        assert(views(v@) =~= timeline_filters(*self));
        v
    }

    fn push_inputs(&self, args: &mut Vec<String>)
        ensures
            views(final(args)@) == views(old(args)@) + Seq::new(
                2 * self.clips@.len(),
                |k: int| if k % 2 == 0 {
                    "-i"@
                } else {
                    self.clips@[k / 2].input@
                },
            ),
    {
        let ghost a0 = views(args@);
        let n = self.clips.len();
        let mut i: usize = 0;
        while i < n
            invariant
                n == self.clips@.len(),
                i <= n,
                views(args@) == a0 + Seq::new(
                    2 * i as nat,
                    |k: int| if k % 2 == 0 {
                        "-i"@
                    } else {
                        self.clips@[k / 2].input@
                    },
                ),
            decreases n - i,
        {
            push_arg(args, "-i");
            push_owned(args, self.clips[i].input.display());
            i = i + 1;
            assert(views(args@) =~= a0 + Seq::new(
                2 * i as nat,
                |k: int| if k % 2 == 0 {
                    "-i"@
                } else {
                    self.clips@[k / 2].input@
                },
            ));
        }
    }

    /// The FFmpeg arguments: inputs, a filter graph that trims and joins the clips and draws
    /// the captions, the music mapping, and the trimmed duration.
    #[verifier::rlimit(40)]
    pub fn command_line(&self) -> (r: Result<Vec<String>, TimelineError>)
        requires
            forall|k: int|
                0 <= k < self.captions@.len() ==> (#[trigger] self.captions@[k]).start@
                    + self.captions@[k].duration@ <= MAX_NANOS,
        ensures
            r is Err <==> self.clips@.len() == 0,
            r matches Err(e) ==> e == TimelineError::EmptyTimeline,
            r matches Ok(args) ==> views(args@) == timeline_args(*self),
            paths_not_flags(*self) ==> (r matches Ok(args) ==> arg_count(views(args@), "-i"@)
                == self.clips@.len() + (if self.music is Some {
                1nat
            } else {
                0nat
            }) && (views(args@).contains("-shortest"@) <==> self.music is Some)),
    {
        if self.clips.len() == 0 {
            return Err(TimelineError::EmptyTimeline);
        }
        let mut args: Vec<String> = Vec::new();
        push_arg(&mut args, "-hide_banner");
        push_arg(&mut args, "-nostdin");
        push_arg(&mut args, "-y");
        let ghost a0 = views(args@);
        let n = self.clips.len();
        self.push_inputs(&mut args);
        let ghost a1 = views(args@);
        if let Some(music) = &self.music {
            push_arg(&mut args, "-stream_loop");
            push_arg(&mut args, "-1");
            push_arg(&mut args, "-i");
            push_owned(&mut args, music.display());
        }
        let ghost a2 = views(args@);
        assert(a2 =~= a1 + match self.music {
            Some(m) => seq!["-stream_loop"@, "-1"@, "-i"@, m@],
            None => seq![],
        });
        let filters = self.filters();
        push_arg(&mut args, "-filter_complex");
        push_owned(&mut args, join_strings(&filters, ";"));
        push_arg(&mut args, "-map");
        push_arg(&mut args, "[v]");
        let ghost a3 = views(args@);
        assert(a3 =~= a2 + seq![
            "-filter_complex"@,
            join(timeline_filters(*self), ";"@),
            "-map"@,
            "[v]"@,
        ]);
        if self.music.is_some() {
            push_arg(&mut args, "-map");
            let mut m = String::new();
            push_decimal(&mut m, n as u64);
            push_str(&mut m, ":a:0");
            push_owned(&mut args, m);
            push_arg(&mut args, "-shortest");
        }
        let ghost a4 = views(args@);
        assert(a4 =~= a3 + match self.music {
            Some(_) => seq!["-map"@, decimal(self.clips@.len()) + ":a:0"@, "-shortest"@],
            None => seq![],
        });
        push_arg(&mut args, "-c:v");
        push_arg(&mut args, "libx264");
        push_arg(&mut args, "-c:a");
        push_arg(&mut args, "aac");
        push_arg(&mut args, "-t");
        let total = match self.total_trimmed_duration() {
            Ok(d) => d,
            Err(e) => {
                return Err(e);
            },
        };
        let mut secs = String::new();
        total.push_secs_plain(&mut secs);
        push_owned(&mut args, secs);
        push_owned(&mut args, self.output.display());
        assert(views(args@) =~= timeline_args(*self));
        proof {
            if paths_not_flags(*self) {
                lemma_timeline_arg_counts(*self);
            }
        }
        Ok(args)
    }
}

} // verus!
