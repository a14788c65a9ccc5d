use yaiko::media_project_templates::{ProjectTemplateStore, TemplateError};

fn values(pairs: &[(&str, &str)]) -> Vec<(String, String)> {
    pairs.iter().map(|(k, v)| (k.to_string(), v.to_string())).collect()
}

#[test]
fn materializes_and_updates_optimistically() {
    let mut s = ProjectTemplateStore::new(2);
    s.create("intro", "tenant", "clip={{clip}} caption={{caption}}", vec!["caption".into(), "clip".into()])
        .unwrap();
    let v = values(&[("clip", "a.mp4"), ("caption", "Hello")]);
    assert_eq!(s.materialize("intro", "tenant", 1, v).unwrap().definition, "clip=a.mp4 caption=Hello");
    assert_eq!(s.update("intro", "tenant", 1, "x={{clip}} caption={{caption}}").unwrap().version, 2);
    assert_eq!(
        s.update("intro", "tenant", 1, "stale={{clip}} caption={{caption}}"),
        Err(TemplateError::RevisionConflict)
    );
}

#[test]
fn validates_scope_capacity_and_missing_values() {
    let mut s = ProjectTemplateStore::new(1);
    assert_eq!(s.create("../bad", "tenant", "x", vec![]), Err(TemplateError::InvalidId));
    s.create("x", "tenant", "x={{value}}", vec!["value".into()]).unwrap();
    assert_eq!(s.create("y", "tenant", "x", vec![]), Err(TemplateError::Capacity));
    assert_eq!(s.materialize("x", "other", 1, Vec::new()), Err(TemplateError::ScopeMismatch));
}

#[test]
fn placeholders_are_sorted_deduplicated_and_required() {
    let mut s = ProjectTemplateStore::new(3);
    let t = s.create("t", "s", "{{b}}{{a}}{{b}}", vec!["b".into(), "a".into(), "b".into()]).unwrap();
    assert_eq!(t.placeholders, vec!["a".to_string(), "b".to_string()]);
    assert_eq!(s.create("u", "s", "no braces", vec!["a".into()]), Err(TemplateError::InvalidDefinition));
    assert_eq!(s.create("t", "s", "x", vec![]), Err(TemplateError::Duplicate));
    let filled = s.materialize("t", "s", 1, values(&[("a", "1"), ("b", "2")])).unwrap();
    assert_eq!(filled.definition, "212");
    assert_eq!(s.materialize("t", "s", 1, values(&[("a", "1")])), Err(TemplateError::InvalidDefinition));
    assert_eq!(s.materialize("t", "s", 1, values(&[("a", "1"), ("b", "")])), Err(TemplateError::InvalidDefinition));
    assert_eq!(s.update("t", "s", 1, "{{a}} only"), Err(TemplateError::InvalidDefinition));
    assert_eq!(s.update("nope", "s", 1, "x"), Err(TemplateError::Missing));
}
