use yaiko::media_scenes::{validate_scenes, SceneBoundary, SceneError, SceneMarker};

#[test]
fn produces_deterministic_ordered_markers() {
    let markers = validate_scenes(
        vec![
            SceneBoundary { start_ms: 100, end_ms: 300, label: Some("second".into()) },
            SceneBoundary { start_ms: 0, end_ms: 100, label: None },
        ],
        50,
    )
    .unwrap();
    assert_eq!(
        markers,
        vec![
            SceneMarker { at_ms: 0, label: "scene-1".into() },
            SceneMarker { at_ms: 100, label: "second".into() }
        ]
    );
}

#[test]
fn rejects_short_overlapping_empty_and_invalid_scenes() {
    assert_eq!(validate_scenes(Vec::new(), 1), Err(SceneError::Empty));
    assert_eq!(
        validate_scenes(vec![SceneBoundary { start_ms: 0, end_ms: 5, label: None }], 10),
        Err(SceneError::TooShort)
    );
    assert_eq!(
        validate_scenes(
            vec![
                SceneBoundary { start_ms: 0, end_ms: 100, label: None },
                SceneBoundary { start_ms: 50, end_ms: 150, label: None }
            ],
            10
        ),
        Err(SceneError::Overlap)
    );
    assert_eq!(
        validate_scenes(vec![SceneBoundary { start_ms: 0, end_ms: 100, label: Some("bad\nlabel".into()) }], 10),
        Err(SceneError::InvalidLabel)
    );
}

#[test]
fn reversed_scene_is_too_short_and_zero_minimum_is_empty() {
    assert_eq!(
        validate_scenes(vec![SceneBoundary { start_ms: 100, end_ms: 50, label: None }], 1),
        Err(SceneError::TooShort)
    );
    assert_eq!(
        validate_scenes(vec![SceneBoundary { start_ms: 0, end_ms: 50, label: None }], 0),
        Err(SceneError::Empty)
    );
}
