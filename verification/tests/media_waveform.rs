use yaiko::media_waveform::{Chapter, ChapterTrack, WaveformError};

#[test]
fn sorts_and_serializes_non_overlapping_chapters() {
    let chapters = ChapterTrack::new(
        10_000,
        vec![
            Chapter::new(5000, 9000, "End: Credits", "#00ff00").unwrap(),
            Chapter::new(0, 4000, "Intro", "#ff0000").unwrap(),
        ],
    )
    .unwrap();
    assert_eq!(chapters.serialized(), "0-4000:Intro:#ff0000|5000-9000:End\\: Credits:#00ff00");
}

#[test]
fn rejects_bad_ranges_labels_colors_and_overlap() {
    assert_eq!(Chapter::new(2, 1, "x", "#ffffff"), Err(WaveformError::InvalidRange));
    assert_eq!(Chapter::new(0, 1, "x", "red"), Err(WaveformError::InvalidColor));
    assert_eq!(
        ChapterTrack::new(
            10,
            vec![Chapter::new(0, 6, "a", "#ffffff").unwrap(), Chapter::new(5, 8, "b", "#ffffff").unwrap()]
        ),
        Err(WaveformError::Overlap)
    );
}

#[test]
fn checks_labels_track_bounds_and_escapes() {
    assert_eq!(Chapter::new(0, 1, "", "#ffffff"), Err(WaveformError::InvalidLabel));
    assert_eq!(Chapter::new(0, 1, "x", "#GGGGGG"), Err(WaveformError::InvalidColor));
    assert_eq!(ChapterTrack::new(0, Vec::new()), Err(WaveformError::InvalidRange));
    assert_eq!(
        ChapterTrack::new(5, vec![Chapter::new(0, 6, "a", "#ABCDEF").unwrap()]),
        Err(WaveformError::InvalidRange)
    );
    let t = ChapterTrack::new(10, vec![Chapter::new(1, 2, "a|b\\c", "#000000").unwrap()]).unwrap();
    assert_eq!(t.serialized(), "1-2:a\\|b\\\\c:#000000");
    assert_eq!(ChapterTrack::new(10, Vec::new()).unwrap().serialized(), "");
}
