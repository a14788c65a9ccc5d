use yaiko::script::{ScriptError, ScriptRegistry, ScriptStrategy};

#[test]
fn renders_strategies_and_deduplicates() {
    let r = ScriptRegistry::new()
        .add("/app.js", ScriptStrategy::Defer, None)
        .unwrap()
        .add("/lazy.js", ScriptStrategy::Lazy, None)
        .unwrap()
        .add("https://cdn.example/x.js", ScriptStrategy::Worker, Some("sha256-abcdef0123456789".into()))
        .unwrap();
    let o = r.render();
    assert!(o.contains(" defer"));
    assert!(o.contains("data-loading=\"lazy\""));
    assert!(o.contains("text/worker"));
    assert!(o.contains("integrity"))
}

#[test]
fn rejects_unsafe_sources_and_integrity() {
    assert!(matches!(
        ScriptRegistry::new().add("javascript:bad", ScriptStrategy::Defer, None),
        Err(ScriptError::InvalidSource)
    ));
    assert!(matches!(
        ScriptRegistry::new().add("/x.js", ScriptStrategy::Defer, Some("bad".into())),
        Err(ScriptError::InvalidIntegrity)
    ));
}

#[test]
fn orders_by_source_replaces_and_escapes() {
    let r = ScriptRegistry::default()
        .add("/b.js", ScriptStrategy::Defer, None)
        .unwrap()
        .add("/a.js?x=1&y=<2>", ScriptStrategy::Lazy, None)
        .unwrap()
        .add("/b.js", ScriptStrategy::Worker, None)
        .unwrap();
    assert_eq!(
        r.render(),
        "<script src=\"/a.js?x=1&amp;y=&lt;2>\" data-loading=\"lazy\"></script><script src=\"/b.js\" type=\"text/worker\"></script>"
    );
}
