use yaiko::router::{Route, RouteDecision, RouteTable};

fn pair(a: &str, b: &str) -> (String, String) {
    (a.to_string(), b.to_string())
}

#[test]
fn mounted_router_matches_mount_root() {
    let mut sub = RouteTable::new();
    let root = sub.add("GET", "/");
    let mut table = RouteTable::new();
    let first = table.mount("/api");
    match table.decide("/api", "GET") {
        RouteDecision::Dispatch { route, params, path } => {
            assert_eq!(route, first);
            assert!(params.is_empty());
            let inner = path.unwrap();
            assert_eq!(inner, "/");
            assert_eq!(sub.decide(&inner, "GET"), RouteDecision::Dispatch { route: root, params: vec![], path: None });
        }
        other => panic!("unexpected {other:?}"),
    }
    match table.decide("/api/users/7", "POST") {
        RouteDecision::Dispatch { path, .. } => assert_eq!(path.as_deref(), Some("/users/7")),
        other => panic!("unexpected {other:?}"),
    }
}

#[test]
fn routes_bind_parameters_and_wildcards() {
    let route = Route::new("GET", "/users/:id/posts/:post_id/");
    assert_eq!(route.path, "/users/:id/posts/:post_id");
    assert_eq!(route.pattern, "^/users/([^/]+)/posts/([^/]+)$");
    assert_eq!(route.param_names, vec!["id".to_string(), "post_id".to_string()]);
    assert_eq!(route.matches_path("/users/7/posts/9"), Some(vec![pair("id", "7"), pair("post_id", "9")]));
    assert_eq!(route.matches_path("/users/7/posts"), None);
    let files = Route::new("GET", "/files/*");
    assert_eq!(files.pattern, "^/files/(.*)$");
    assert_eq!(files.matches_path("/files/a/b.txt"), Some(vec![]));
    let dotted = Route::new("GET", "/a.b+(c)");
    assert_eq!(dotted.pattern, "^/a\\.b\\+\\(c\\)$");
    assert!(dotted.matches_path("/a.b+(c)").is_some());
    assert!(dotted.matches_path("/aXb+(c)").is_none());
    assert_eq!(Route::new("GET", "").path, "/");
}

#[test]
fn head_uses_get_and_refusals_list_methods() {
    let mut table = RouteTable::new();
    let get = table.add("GET", "/items/:id");
    table.add("DELETE", "/items/:id");
    table.add("GET", "/items/:id");
    assert_eq!(
        table.decide("/items/3/", "HEAD"),
        RouteDecision::Dispatch { route: get, params: vec![pair("id", "3")], path: None }
    );
    assert_eq!(table.decide("/items/3", "POST"), RouteDecision::MethodNotAllowed("DELETE, GET".to_string()));
    assert_eq!(table.decide("/items/3", "OPTIONS"), RouteDecision::Options("DELETE, GET".to_string()));
    assert_eq!(table.decide("/other", "GET"), RouteDecision::NotFound);
    table.set_static_prefix("/static");
    assert_eq!(table.decide("/static/app.js", "GET"), RouteDecision::Static);
    assert_eq!(table.decide("/other", "GET"), RouteDecision::NotFound);
}
