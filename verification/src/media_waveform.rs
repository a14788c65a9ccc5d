//! Chapter markers for video-editor timelines: validated, ordered and serialized.
use vstd::prelude::*;
use crate::text::{chars_of, decimal, is_safe_text, push_char, push_decimal, push_str, safe_text};

verus! {

#[derive(Debug, Clone, Copy, PartialEq, Eq, Structural)]
pub enum WaveformError {
    EmptySamples,
    TooManySamples,
    InvalidSample,
    InvalidRange,
    InvalidLabel,
    InvalidColor,
    Overlap,
}

#[derive(Debug, Clone, PartialEq, Eq)]
pub struct Chapter {
    pub start_ms: u64,
    pub end_ms: u64,
    pub label: String,
    pub color: String,
}

pub struct ChapterView {
    pub start_ms: u64,
    pub end_ms: u64,
    pub label: Seq<char>,
    pub color: Seq<char>,
}

impl View for Chapter {
    type V = ChapterView;

    open spec fn view(&self) -> ChapterView {
        ChapterView { start_ms: self.start_ms, end_ms: self.end_ms, label: self.label@, color: self.color@ }
    }
}

#[derive(Debug, Clone, PartialEq, Eq)]
pub struct ChapterTrack {
    pub duration_ms: u64,
    pub chapters: Vec<Chapter>,
}

pub const MAX_LABEL_BYTES: usize = 128;

pub open spec fn hex_digit(c: char) -> bool {
    ('0' <= c && c <= '9') || ('a' <= c && c <= 'f') || ('A' <= c && c <= 'F')
}

/// `#` and six hex digits.
pub open spec fn valid_color(s: Seq<char>) -> bool {
    s.len() == 7 && s[0] == '#' && forall|i: int| 1 <= i < 7 ==> hex_digit(#[trigger] s[i])
}

pub open spec fn chapter_views(v: Seq<Chapter>) -> Seq<ChapterView> {
    v.map_values(|c: Chapter| c@)
}

/// `x` placed after every chapter that starts no later than it.
pub open spec fn insert_by_start(sorted: Seq<ChapterView>, x: ChapterView) -> Seq<ChapterView>
    decreases sorted.len(),
{
    if sorted.len() == 0 || sorted.last().start_ms <= x.start_ms {
        sorted.push(x)
    } else {
        insert_by_start(sorted.drop_last(), x).push(sorted.last())
    }
}

/// Stable sort by start.
pub open spec fn sort_by_start(s: Seq<ChapterView>) -> Seq<ChapterView>
    decreases s.len(),
{
    if s.len() == 0 {
        s
    } else {
        insert_by_start(sort_by_start(s.drop_last()), s.last())
    }
}

pub open spec fn start_ordered(s: Seq<ChapterView>) -> bool {
    forall|i: int, j: int| 0 <= i <= j < s.len() ==> (#[trigger] s[i]).start_ms <= (#[trigger] s[j]).start_ms
}

/// What `ChapterTrack::new` answers for chapters already sorted by start.
pub open spec fn track_check(duration_ms: u64, sorted: Seq<ChapterView>) -> Result<(), WaveformError> {
    if exists|i: int| 0 <= i < sorted.len() - 1 && sorted[i].end_ms > sorted[i + 1].start_ms {
        Err(WaveformError::Overlap)
    } else if exists|i: int| 0 <= i < sorted.len() && (#[trigger] sorted[i]).end_ms > duration_ms {
        Err(WaveformError::InvalidRange)
    } else {
        Ok(())
    }
}

/// `\`, `|` and `:` preceded by a backslash.
pub open spec fn escape_label(s: Seq<char>) -> Seq<char>
    decreases s.len(),
{
    if s.len() == 0 {
        s
    } else {
        escape_label(s.drop_last()) + if s.last() == '\\' || s.last() == '|' || s.last() == ':' {
            seq!['\\', s.last()]
        } else {
            seq![s.last()]
        }
    }
}

/// `start-end:label:color`.
pub open spec fn chapter_text(c: ChapterView) -> Seq<char> {
    decimal(c.start_ms as nat) + seq!['-'] + decimal(c.end_ms as nat) + seq![':'] + escape_label(c.label)
        + seq![':'] + c.color
}

/// The chapters' texts joined by `|`.
pub open spec fn track_text(cs: Seq<ChapterView>) -> Seq<char>
    decreases cs.len(),
{
    if cs.len() == 0 {
        Seq::empty()
    } else if cs.len() == 1 {
        chapter_text(cs[0])
    } else {
        track_text(cs.drop_last()) + seq!['|'] + chapter_text(cs.last())
    }
}

fn is_color(v: &str) -> (r: bool)
    ensures
        r == valid_color(v@),
{
    let c = chars_of(v);
    if c.len() != 7 || c[0] != '#' {
        return false;
    }
    let mut i: usize = 1;
    while i < 7
        invariant
            c@ == v@,
            c@.len() == 7,
            1 <= i <= 7,
            forall|j: int| 1 <= j < i ==> hex_digit(#[trigger] v@[j]),
        decreases 7 - i,
    {
        let d = c[i];
        if !(('0' <= d && d <= '9') || ('a' <= d && d <= 'f') || ('A' <= d && d <= 'F')) {
            return false;
        }
        i = i + 1;
    }
    true
}

impl Chapter {
    /// A chapter from `start_ms` to a later `end_ms`, with a label of 1 to 128 bytes without
    /// control characters and a `#rrggbb` color.
    pub fn new(start_ms: u64, end_ms: u64, label: &str, color: &str) -> (r: Result<Chapter, WaveformError>)
        ensures
            start_ms >= end_ms ==> r == Err::<Chapter, _>(WaveformError::InvalidRange),
            start_ms < end_ms && !safe_text(label@, MAX_LABEL_BYTES as nat) ==> r == Err::<Chapter, _>(
                WaveformError::InvalidLabel,
            ),
            start_ms < end_ms && safe_text(label@, MAX_LABEL_BYTES as nat) && !valid_color(color@) ==> r
                == Err::<Chapter, _>(WaveformError::InvalidColor),
            start_ms < end_ms && safe_text(label@, MAX_LABEL_BYTES as nat) && valid_color(color@) ==> (r matches Ok(c)
                && c@ == (ChapterView { start_ms, end_ms, label: label@, color: color@ })),
    {
        if start_ms >= end_ms {
            return Err(WaveformError::InvalidRange);
        }
        if !is_safe_text(label, MAX_LABEL_BYTES) {
            return Err(WaveformError::InvalidLabel);
        }
        if !is_color(color) {
            return Err(WaveformError::InvalidColor);
        }
        Ok(Chapter { start_ms, end_ms, label: label.to_string(), color: color.to_string() })
    }
}

proof fn lemma_insert_by_start(sorted: Seq<ChapterView>, x: ChapterView, p: int)
    requires
        start_ordered(sorted),
        0 <= p <= sorted.len(),
        forall|j: int| 0 <= j < p ==> (#[trigger] sorted[j]).start_ms <= x.start_ms,
        forall|j: int| p <= j < sorted.len() ==> (#[trigger] sorted[j]).start_ms > x.start_ms,
    ensures
        insert_by_start(sorted, x) == sorted.insert(p, x),
        start_ordered(sorted.insert(p, x)),
    decreases sorted.len(),
{
    let r = sorted.insert(p, x);
    if sorted.len() == 0 || sorted.last().start_ms <= x.start_ms {
        if sorted.len() > 0 {
            assert(p == sorted.len());
        }
        assert(r =~= sorted.push(x));
    } else {
        let t = sorted.drop_last();
        assert forall|j: int| p <= j < t.len() implies (#[trigger] t[j]).start_ms > x.start_ms by {
            assert(t[j] == sorted[j]);
        }
        assert forall|j: int| 0 <= j < p implies (#[trigger] t[j]).start_ms <= x.start_ms by {
            assert(t[j] == sorted[j]);
        }
        lemma_insert_by_start(t, x, p);
        assert(r =~= t.insert(p, x).push(sorted.last()));
    }
    assert forall|i: int, j: int| 0 <= i <= j < r.len() implies (#[trigger] r[i]).start_ms <= (
    #[trigger] r[j]).start_ms by {
        if i < p && j < p {
            assert(r[i] == sorted[i] && r[j] == sorted[j]);
        } else if i < p && j == p {
            assert(r[i] == sorted[i]);
        } else if i < p {
            assert(r[i] == sorted[i] && r[j] == sorted[j - 1]);
        } else if i == p && j > p {
            assert(r[j] == sorted[j - 1]);
        } else if i > p {
            assert(r[i] == sorted[i - 1] && r[j] == sorted[j - 1]);
        }
    }
}

fn sort_chapters(chapters: Vec<Chapter>) -> (r: Vec<Chapter>)
    ensures
        chapter_views(r@) == sort_by_start(chapter_views(chapters@)),
{
    let ghost original = chapter_views(chapters@);
    let n = chapters.len();
    let mut rest = chapters;
    let mut items: Vec<Chapter> = Vec::new();
    while rest.len() > 0
        invariant
            chapter_views(rest@) + chapter_views(items@).reverse() == original,
            original.len() == n,
        decreases rest.len(),
    {
        let ghost before_rest = rest@;
        let ghost before_items = items@;
        let x = rest.pop().unwrap();
        items.push(x);
        proof {
            assert(before_rest =~= rest@.push(x));
            assert(items@ =~= before_items.push(x));
            assert(chapter_views(before_rest) =~= chapter_views(rest@).push(x@));
            assert(chapter_views(items@).reverse() =~= seq![x@] + chapter_views(before_items).reverse());
            assert(chapter_views(rest@) + chapter_views(items@).reverse() =~= chapter_views(before_rest)
                + chapter_views(before_items).reverse());
        }
    }
    assert(chapter_views(items@).reverse() =~= original);
    let mut sorted: Vec<Chapter> = Vec::new();
    let mut k: usize = 0;
    while items.len() > 0
        invariant
            chapter_views(items@).reverse() == original.skip(k as int),
            k + items@.len() == original.len(),
            original.len() == n,
            k <= original.len(),
            chapter_views(sorted@) == sort_by_start(original.take(k as int)),
            start_ordered(chapter_views(sorted@)),
        decreases items.len(),
    {
        let ghost before = items@;
        let x = items.pop().unwrap();
        proof {
            assert(before =~= items@.push(x));
            assert(chapter_views(before) =~= chapter_views(items@).push(x@));
            assert(chapter_views(before).reverse() =~= seq![x@] + chapter_views(items@).reverse());
            assert(original.skip(k as int)[0] == original[k as int]);
            assert(original[k as int] == x@);
            assert(original.skip(k + 1) =~= original.skip(k as int).drop_first());
            assert((seq![x@] + chapter_views(items@).reverse()).drop_first() =~= chapter_views(
                items@,
            ).reverse());
            assert(original.take(k + 1).drop_last() =~= original.take(k as int));
            assert(original.take(k + 1).last() == x@);
        }
        let ghost sv = chapter_views(sorted@);
        let mut p = sorted.len();
        while p > 0 && sorted[p - 1].start_ms > x.start_ms
            invariant
                sv == chapter_views(sorted@),
                p <= sv.len(),
                forall|j: int| p <= j < sv.len() ==> (#[trigger] sv[j]).start_ms > x.start_ms,
            decreases p,
        {
            p = p - 1;
        }
        proof {
            assert forall|j: int| 0 <= j < p implies (#[trigger] sv[j]).start_ms <= x@.start_ms by {
                assert(sv[j].start_ms <= sv[p - 1].start_ms);
            }
            lemma_insert_by_start(sv, x@, p as int);
        }
        let ghost xv = x@;
        sorted.insert(p, x);
        k = k + 1;
        proof {
            assert(chapter_views(sorted@) =~= sv.insert(p as int, xv));
            assert(original.skip(k as int) =~= chapter_views(items@).reverse());
        }
    }
    assert(original.take(k as int) =~= original);
    sorted
}

fn push_label(out: &mut String, s: &str)
    ensures
        final(out)@ == old(out)@ + escape_label(s@),
{
    let v = chars_of(s);
    let mut i: usize = 0;
    while i < v.len()
        invariant
            v@ == s@,
            i <= v@.len(),
            out@ == old(out)@ + escape_label(s@.take(i as int)),
        decreases v@.len() - i,
    {
        proof {
            assert(s@.take(i + 1).drop_last() =~= s@.take(i as int));
            assert(s@.take(i + 1).last() == v@[i as int]);
        }
        let c = v[i];
        if c == '\\' || c == '|' || c == ':' {
            push_char(out, '\\');
        }
        push_char(out, c);
        i = i + 1;
        assert(out@ =~= old(out)@ + escape_label(s@.take(i as int)));
    }
    assert(s@.take(v@.len() as int) =~= s@);
}

impl ChapterTrack {
    /// The chapters sorted by start (ties keep their order); refused when the duration is
    /// zero, two neighbours overlap, or a chapter ends after the track.
    pub fn new(duration_ms: u64, chapters: Vec<Chapter>) -> (r: Result<ChapterTrack, WaveformError>)
        ensures
            duration_ms == 0 ==> r == Err::<ChapterTrack, _>(WaveformError::InvalidRange),
            duration_ms > 0 ==> match track_check(duration_ms, sort_by_start(chapter_views(chapters@))) {
                Err(e) => r == Err::<ChapterTrack, _>(e),
                Ok(()) => r matches Ok(t) && t.duration_ms == duration_ms && chapter_views(t.chapters@)
                    == sort_by_start(chapter_views(chapters@)),
            },
    {
        if duration_ms == 0 {
            return Err(WaveformError::InvalidRange);
        }
        let ghost target = sort_by_start(chapter_views(chapters@));
        let sorted = sort_chapters(chapters);
        let ghost s = chapter_views(sorted@);
        let mut i: usize = 0;
        while sorted.len() > 0 && i < sorted.len() - 1
            invariant
                s == chapter_views(sorted@),
                s == target,
                target == sort_by_start(chapter_views(chapters@)),
                duration_ms > 0,
                forall|j: int| 0 <= j < i && j + 1 < s.len() ==> !(s[j].end_ms > s[j + 1].start_ms),
                i <= s.len(),
            decreases s.len() - i,
        {
            if sorted[i].end_ms > sorted[i + 1].start_ms {
                assert(s[i as int].end_ms > s[i + 1].start_ms);
                return Err(WaveformError::Overlap);
            }
            i = i + 1;
        }
        assert(!(exists|j: int| 0 <= j < s.len() - 1 && s[j].end_ms > s[j + 1].start_ms));
        let mut i: usize = 0;
        while i < sorted.len()
            invariant
                s == chapter_views(sorted@),
                s == target,
                target == sort_by_start(chapter_views(chapters@)),
                duration_ms > 0,
                !(exists|j: int| 0 <= j < s.len() - 1 && s[j].end_ms > s[j + 1].start_ms),
                i <= s.len(),
                forall|j: int| 0 <= j < i ==> (#[trigger] s[j]).end_ms <= duration_ms,
            decreases s.len() - i,
        {
            if sorted[i].end_ms > duration_ms {
                assert(s[i as int].end_ms > duration_ms);
                return Err(WaveformError::InvalidRange);
            }
            i = i + 1;
        }
        Ok(ChapterTrack { duration_ms, chapters: sorted })
    }

    /// `start-end:label:color` per chapter, joined by `|`; `\`, `|` and `:` in labels are
    /// escaped with a backslash.
    pub fn serialized(&self) -> (s: String)
        ensures
            s@ == track_text(chapter_views(self.chapters@)),
    {
        let ghost cs = chapter_views(self.chapters@);
        let mut out = String::new();
        let mut i: usize = 0;
        while i < self.chapters.len()
            invariant
                cs == chapter_views(self.chapters@),
                i <= cs.len(),
                out@ == track_text(cs.take(i as int)),
            decreases cs.len() - i,
        {
            let c = &self.chapters[i];
            proof {
                assert(cs.take(i + 1).drop_last() =~= cs.take(i as int));
                assert(cs.take(i + 1).last() == c@);
            }
            let ghost before = out@;
            if i > 0 {
                push_char(&mut out, '|');
            }
            push_decimal(&mut out, c.start_ms);
            push_char(&mut out, '-');
            push_decimal(&mut out, c.end_ms);
            push_char(&mut out, ':');
            push_label(&mut out, c.label.as_str());
            push_char(&mut out, ':');
            push_str(&mut out, c.color.as_str());
            proof {
                if i == 0 {
                    assert(cs.take(1) =~= seq![c@]);
                }
                assert(out@ =~= track_text(cs.take(i + 1)));
            }
            i = i + 1;
        }
        assert(cs.take(cs.len() as int) =~= cs);
        out
    }
}

} // verus!
