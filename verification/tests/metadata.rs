use yaiko::metadata::{Metadata, MetadataError};

#[test]
fn renders_seo_social_and_jsonld() {
    let m = Metadata::new()
        .title("A & B")
        .unwrap()
        .description("Desc")
        .unwrap()
        .canonical("https://example.com")
        .unwrap()
        .image("https://example.com/a.png")
        .unwrap()
        .json_ld("{\"@type\":\"VideoObject\"}")
        .unwrap();
    let o = m.render();
    assert!(o.contains("og:title"));
    assert!(o.contains("&amp;"));
    assert!(o.contains("application/ld+json"))
}

#[test]
fn rejects_invalid_metadata() {
    assert_eq!(Metadata::new().canonical("http://example.com"), Err(MetadataError::InvalidValue));
    assert_eq!(Metadata::new().json_ld("[]"), Err(MetadataError::InvalidValue))
}

#[test]
fn renders_exact_tags_and_escapes() {
    let m = Metadata::new().title("<\"x\">").unwrap().json_ld("  {}").unwrap();
    assert_eq!(
        m.render(),
        "<title>&lt;&quot;x&quot;&gt;</title><meta property=\"og:title\" content=\"&lt;&quot;x&quot;&gt;\"><script type=\"application/ld+json\">  {}</script>"
    );
    assert_eq!(Metadata::new().render(), "");
    assert_eq!(Metadata::default(), Metadata::new());
    assert_eq!(Metadata::new().title(""), Err(MetadataError::InvalidValue));
    assert_eq!(Metadata::new().image("https://a b"), Err(MetadataError::InvalidValue));
}
