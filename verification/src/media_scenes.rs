//! Scene-boundary validation for deterministic editor timeline markers.
use vstd::prelude::*;
use crate::text::{decimal, has_no_control, owned, push_decimal, safe_text};

verus! {

#[derive(Debug, Clone, Copy, PartialEq, Eq, Structural)]
pub enum SceneError {
    Empty,
    NotOrdered,
    TooShort,
    Overlap,
    InvalidLabel,
}

#[derive(Debug, Clone, PartialEq, Eq)]
pub struct SceneBoundary {
    pub start_ms: u64,
    pub end_ms: u64,
    pub label: Option<String>,
}

#[derive(Debug, Clone, PartialEq, Eq)]
pub struct SceneMarker {
    pub at_ms: u64,
    pub label: String,
}

/// `sorted` with `x` placed after every scene that starts no later than it.
pub open spec fn insert_by_start(sorted: Seq<SceneBoundary>, x: SceneBoundary) -> Seq<
    SceneBoundary,
>
    decreases sorted.len(),
{
    if sorted.len() == 0 || sorted.last().start_ms <= x.start_ms {
        sorted.push(x)
    } else {
        insert_by_start(sorted.drop_last(), x).push(sorted.last())
    }
}

/// The scenes ordered by start, scenes with equal starts kept in their given order.
pub open spec fn sort_by_start(s: Seq<SceneBoundary>) -> Seq<SceneBoundary>
    decreases s.len(),
{
    if s.len() == 0 {
        s
    } else {
        insert_by_start(sort_by_start(s.drop_last()), s.last())
    }
}

/// The label of the scene at `index`: its own, or `scene-<index + 1>`.
pub open spec fn marker_label(s: SceneBoundary, index: nat) -> Seq<char> {
    match s.label {
        Some(l) => l@,
        None => "scene-"@ + decimal(index + 1),
    }
}

/// Checks ordered scenes one by one; the first failure decides.
pub open spec fn scan_scenes(s: Seq<SceneBoundary>, min: u64, i: int, previous_end: u64) -> Result<
    (),
    SceneError,
>
    decreases s.len() - i,
{
    if i >= s.len() || i < 0 {
        Ok(())
    } else {
        let x = s[i];
        if x.end_ms <= x.start_ms || x.end_ms - x.start_ms < min {
            Err(SceneError::TooShort)
        } else if i > 0 && x.start_ms < previous_end {
            Err(SceneError::Overlap)
        } else if x.label matches Some(l) && !safe_text(l@, 128) {
            Err(SceneError::InvalidLabel)
        } else {
            scan_scenes(s, min, i + 1, x.end_ms)
        }
    }
}

fn insert_position(sorted: &Vec<SceneBoundary>, key: u64) -> (p: usize)
    requires
        start_ordered(sorted@),
    ensures
        p <= sorted@.len(),
        forall|j: int| 0 <= j < p ==> (#[trigger] sorted@[j]).start_ms <= key,
        forall|j: int| p <= j < sorted@.len() ==> (#[trigger] sorted@[j]).start_ms > key,
{
    let mut p = sorted.len();
    while p > 0 && sorted[p - 1].start_ms > key
        invariant
            p <= sorted@.len(),
            forall|j: int| p <= j < sorted@.len() ==> (#[trigger] sorted@[j]).start_ms > key,
        decreases p,
    {
        p = p - 1;
    }
    proof {
        if p > 0 {
            assert forall|j: int| 0 <= j < p implies (#[trigger] sorted@[j]).start_ms <= key by {
                assert(sorted@[j].start_ms <= sorted@[p - 1].start_ms);
            }
        }
    }
    p
}

/// Ordered by start.
pub open spec fn start_ordered(s: Seq<SceneBoundary>) -> bool {
    forall|i: int, j: int| 0 <= i <= j < s.len() ==> (#[trigger] s[i]).start_ms <= (
    #[trigger] s[j]).start_ms
}

proof fn lemma_sort_len(s: Seq<SceneBoundary>)
    ensures
        sort_by_start(s).len() == s.len(),
    decreases s.len(),
{
    if s.len() > 0 {
        lemma_sort_len(s.drop_last());
        lemma_insert_len(sort_by_start(s.drop_last()), s.last());
    }
}

proof fn lemma_insert_len(sorted: Seq<SceneBoundary>, x: SceneBoundary)
    ensures
        insert_by_start(sorted, x).len() == sorted.len() + 1,
    decreases sorted.len(),
{
    if sorted.len() > 0 && sorted.last().start_ms > x.start_ms {
        lemma_insert_len(sorted.drop_last(), x);
    }
}

proof fn lemma_insert_by_start(sorted: Seq<SceneBoundary>, x: SceneBoundary, p: int)
    requires
        start_ordered(sorted),
        0 <= p <= sorted.len(),
        forall|j: int| 0 <= j < p ==> (#[trigger] sorted[j]).start_ms <= x.start_ms,
        forall|j: int| p <= j < sorted.len() ==> (#[trigger] sorted[j]).start_ms > x.start_ms,
    ensures
        insert_by_start(sorted, x) == sorted.insert(p, x),
        start_ordered(sorted.insert(p, x)),
    decreases sorted.len(),
{
    let r = sorted.insert(p, x);
    if sorted.len() == 0 || sorted.last().start_ms <= x.start_ms {
        if sorted.len() > 0 {
            assert(p == sorted.len());
        }
        assert(r =~= sorted.push(x));
    } else {
        assert(p < sorted.len());
        let t = sorted.drop_last();
        assert forall|j: int| p <= j < t.len() implies (#[trigger] t[j]).start_ms > x.start_ms by {
            assert(t[j] == sorted[j]);
        }
        assert forall|j: int| 0 <= j < p implies (#[trigger] t[j]).start_ms <= x.start_ms by {
            assert(t[j] == sorted[j]);
        }
        lemma_insert_by_start(t, x, p);
        assert(r =~= t.insert(p, x).push(sorted.last()));
    }
    assert forall|i: int, j: int| 0 <= i <= j < r.len() implies (#[trigger] r[i]).start_ms <= (
    #[trigger] r[j]).start_ms by {
        if i < p && j < p {
            assert(r[i] == sorted[i] && r[j] == sorted[j]);
        } else if i < p && j == p {
            assert(r[i] == sorted[i]);
        } else if i < p {
            assert(r[i] == sorted[i] && r[j] == sorted[j - 1]);
        } else if i == p && j > p {
            assert(r[j] == sorted[j - 1]);
        } else if i > p {
            assert(r[i] == sorted[i - 1] && r[j] == sorted[j - 1]);
        }
    }
}

fn sort_scenes(scenes: Vec<SceneBoundary>) -> (r: Vec<SceneBoundary>)
    ensures
        r@ == sort_by_start(scenes@),
        start_ordered(r@),
{
    let mut sorted: Vec<SceneBoundary> = Vec::new();
    let mut rest = scenes;
    let ghost original = rest@;
    let n = rest.len();
    let mut items: Vec<SceneBoundary> = Vec::new();
    while rest.len() > 0
        invariant
            rest@ + items@.reverse() == original,
        decreases rest.len(),
    {
        let x = rest.pop().unwrap();
        items.push(x);
        proof {
            assert(rest@.push(x) + items@.drop_last().reverse() == original);
            assert(items@.reverse() =~= seq![x] + items@.drop_last().reverse());
            assert(rest@ + items@.reverse() =~= rest@.push(x) + items@.drop_last().reverse());
        }
    }
    assert(items@.reverse() =~= original);
    let mut k: usize = 0;
    while items.len() > 0
        invariant
            items@.reverse() == original.skip(k as int),
            k + items@.len() == original.len(),
            original.len() == n,
            k <= original.len(),
            sorted@ == sort_by_start(original.take(k as int)),
            start_ordered(sorted@),
        decreases items.len(),
    {
        let ghost before = items@;
        let x = items.pop().unwrap();
        proof {
            assert(before =~= items@.push(x));
            assert(before.reverse() =~= seq![x] + items@.reverse());
            assert(original.skip(k as int) =~= seq![x] + items@.reverse());
            assert(original.skip(k as int)[0] == original[k as int]);
            assert(original[k as int] == x);
            assert(original.skip(k + 1) =~= original.skip(k as int).drop_first());
            assert((seq![x] + items@.reverse()).drop_first() =~= items@.reverse());
            assert(original.take(k + 1).drop_last() =~= original.take(k as int));
            assert(original.take(k + 1).last() == x);
        }
        let p = insert_position(&sorted, x.start_ms);
        proof {
            lemma_insert_by_start(sorted@, x, p as int);
        }
        sorted.insert(p, x);
        k = k + 1;
        proof {
            assert(original.skip(k as int) =~= items@.reverse());
        }
    }
    assert(original.take(k as int) =~= original);
    sorted
}

/// Orders scenes by start and turns them into markers, checking that each lasts at least
/// `minimum_duration_ms`, none overlaps the one before, and labels are 1 to 128 bytes
/// without control characters.
pub fn validate_scenes(scenes: Vec<SceneBoundary>, minimum_duration_ms: u64) -> (r: Result<
    Vec<SceneMarker>,
    SceneError,
>)
    ensures
        scenes@.len() == 0 || minimum_duration_ms == 0 ==> r == Err::<Vec<SceneMarker>, _>(
            SceneError::Empty,
        ),
        !(scenes@.len() == 0 || minimum_duration_ms == 0) ==> match scan_scenes(
            sort_by_start(scenes@),
            minimum_duration_ms,
            0,
            0,
        ) {
            Err(e) => r == Err::<Vec<SceneMarker>, _>(e),
            Ok(()) => r matches Ok(m) && m@.len() == scenes@.len() && forall|i: int|
                0 <= i < m@.len() ==> (#[trigger] m@[i]).at_ms == sort_by_start(scenes@)[i].start_ms
                    && m@[i].label@ == marker_label(sort_by_start(scenes@)[i], i as nat),
        },
{
    if scenes.len() == 0 || minimum_duration_ms == 0 {
        return Err(SceneError::Empty);
    }
    let ghost sv = scenes@;
    let sorted = sort_scenes(scenes);
    let ghost s = sorted@;
    proof {
        lemma_sort_len(sv);
    }
    let mut previous_end: u64 = 0;
    let mut markers: Vec<SceneMarker> = Vec::new();
    let mut i: usize = 0;
    while i < sorted.len()
        invariant
            s == sorted@,
            s == sort_by_start(sv),
            sv == scenes@,
            s.len() == sv.len(),
            !(sv.len() == 0 || minimum_duration_ms == 0),
            i <= s.len(),
            scan_scenes(s, minimum_duration_ms, 0, 0) == scan_scenes(
                s,
                minimum_duration_ms,
                i as int,
                previous_end,
            ),
            markers@.len() == i,
            forall|j: int|
                0 <= j < i ==> (#[trigger] markers@[j]).at_ms == s[j].start_ms && markers@[j].label@
                    == marker_label(s[j], j as nat),
        decreases s.len() - i,
    {
        let scene = &sorted[i];
        if scene.end_ms <= scene.start_ms || scene.end_ms - scene.start_ms < minimum_duration_ms {
            return Err(SceneError::TooShort);
        }
        if i > 0 && scene.start_ms < previous_end {
            return Err(SceneError::Overlap);
        }
        let label = match &scene.label {
            Some(l) => {
                if l.as_str().is_empty() || l.as_str().len() > 128 || !has_no_control(l.as_str()) {
                    return Err(SceneError::InvalidLabel);
                }
                l.clone()
            },
            None => {
                let mut t = owned("scene-");
                push_decimal(&mut t, i as u64 + 1);
                t
            },
        };
        markers.push(SceneMarker { at_ms: scene.start_ms, label });
        previous_end = scene.end_ms;
        i = i + 1;
    }
    Ok(markers)
}

} // verus!
