use yaiko::openapi::{normalize_path, OpenApiDocument, OpenApiOperation, OpenApiPathItem};

fn item<'a>(doc: &'a OpenApiDocument, path: &str) -> Option<&'a OpenApiPathItem> {
    doc.paths.iter().find(|(p, _)| p == path).map(|(_, i)| i)
}

#[test]
fn builder_serializes_framework_paths_as_openapi_paths() {
    let document = OpenApiDocument::new("Demo", "1.0.0")
        .description("Demo API")
        .server("https://example.test", None)
        .route(
            "GET",
            "/users/:id",
            OpenApiOperation::new(200, "User returned").summary("Get a user").operation_id("getUser").tag("users"),
        );
    assert_eq!(document.openapi, "3.0.3");
    let get = item(&document, "/users/{id}").unwrap().get.as_ref().unwrap();
    assert_eq!(get.operation_id.as_deref(), Some("getUser"));
    assert_eq!(get.responses[0].0, "200");
    assert_eq!(get.responses[0].1.description, "User returned");
    assert_eq!(get.tags, vec!["users".to_string()]);
    assert_eq!(document.info.description.as_deref(), Some("Demo API"));
    assert_eq!(document.servers.as_ref().unwrap()[0].url, "https://example.test");
}

#[test]
fn empty_and_relative_paths_are_normalized() {
    let document = OpenApiDocument::new("Demo", "1.0.0")
        .route("GET", "", OpenApiOperation::new(200, "OK"))
        .route("POST", "admin/*", OpenApiOperation::new(201, "Created"));
    assert!(item(&document, "/").is_some());
    assert!(item(&document, "/admin/{path}").is_some());
}

#[test]
fn normalizes_parameters_and_slashes() {
    assert_eq!(normalize_path("/users/:id/posts/:post_id/"), "/users/{id}/posts/{post_id}");
    assert_eq!(normalize_path("files/*"), "/files/{path}");
    assert_eq!(normalize_path("/"), "/");
    assert_eq!(normalize_path(""), "/");
    assert_eq!(normalize_path("/a/:x-y"), "/a/{x}-y");
    assert_eq!(normalize_path("/a/:"), "/a/{}");
    assert_eq!(normalize_path("///"), "/");
}

#[test]
fn routes_share_path_items_and_stay_in_order() {
    let document = OpenApiDocument::new("Demo", "1")
        .route("POST", "/b", OpenApiOperation::new(201, "Created"))
        .route("GET", "/a", OpenApiOperation::new(200, "OK"))
        .route("DELETE", "/b/", OpenApiOperation::new(204, "Gone"))
        .route("TRACE", "/c", OpenApiOperation::new(200, "Ignored"));
    let paths: Vec<&str> = document.paths.iter().map(|(p, _)| p.as_str()).collect();
    assert_eq!(paths, vec!["/a", "/b", "/c"]);
    let b = item(&document, "/b").unwrap();
    assert!(b.post.is_some() && b.delete.is_some() && b.get.is_none());
    assert_eq!(item(&document, "/c").unwrap(), &OpenApiPathItem::default());
}

#[test]
fn operation_builders_keep_other_fields() {
    let op = OpenApiOperation::new(404, "Missing").description("d").tag("a").tag("b");
    assert_eq!(op.description.as_deref(), Some("d"));
    assert_eq!(op.summary, None);
    assert_eq!(op.tags, vec!["a".to_string(), "b".to_string()]);
    assert_eq!(op.responses[0].0, "404");
    let doc = OpenApiDocument::new("T", "2").server("https://a", Some("first".into())).server("https://b", None);
    let servers = doc.servers.unwrap();
    assert_eq!(servers.len(), 2);
    assert_eq!(servers[0].description.as_deref(), Some("first"));
}

#[test]
fn handler_serves_the_document_it_was_given() {
    let document = OpenApiDocument::new("Demo", "2.0.0").route("GET", "/a", OpenApiOperation::new(200, "ok"));
    let handler = std::sync::Arc::new(document).handler();
    assert_eq!(handler.document().info.version, "2.0.0");
    assert!(item(handler.document(), "/a").unwrap().get.is_some());
}
