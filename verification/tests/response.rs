use yaiko::response::Response;

fn h(a: &str, b: &str) -> (String, String) {
    (a.to_string(), b.to_string())
}

#[test]
fn text_and_html_set_length_and_type() {
    let r = Response::new().text("héllo");
    assert_eq!(r.status_code(), 200);
    assert_eq!(r.header_of("Content-Length"), Some("6"));
    assert_eq!(r.header_of("Content-Type"), Some("text/plain"));
    assert_eq!(r.body_bytes(), &"héllo".as_bytes().to_vec());
    let r = Response::default().status(404).html("<p>x</p>");
    assert_eq!(r.status_code(), 404);
    assert_eq!(r.header_of("Content-Type"), Some("text/html"));
    assert_eq!(r.headers(), &vec![h("Content-Length", "8"), h("Content-Type", "text/html")]);
    let r = Response::new().json_text("{\"a\":1}");
    assert_eq!(r.header_of("Content-Type"), Some("application/json"));
}

#[test]
fn headers_replace_by_exact_name() {
    let r = Response::new().header("X-A", "1").header("X-B", "2").header("X-A", "3").header("x-a", "4");
    assert_eq!(r.headers(), &vec![h("X-A", "3"), h("X-B", "2"), h("x-a", "4")]);
}

#[test]
fn cookies_accumulate_as_lines() {
    let r = Response::new()
        .set_cookie("session", "abc")
        .header("SET-COOKIE", "theme=dark")
        .set_cookie_raw("lang=en");
    assert_eq!(
        r.header_of("Set-Cookie"),
        Some("session=abc; Path=/; HttpOnly; SameSite=Lax\ntheme=dark\nlang=en")
    );
    let lines = r.header_lines();
    assert_eq!(
        lines,
        vec![
            h("Set-Cookie", "session=abc; Path=/; HttpOnly; SameSite=Lax"),
            h("Set-Cookie", "theme=dark"),
            h("Set-Cookie", "lang=en"),
        ]
    );
}

#[test]
fn redirects_and_no_content() {
    let r = Response::new().redirect("/login");
    assert_eq!((r.status_code(), r.header_of("Location")), (302, Some("/login")));
    let r = Response::new().redirect_permanent("/new");
    assert_eq!((r.status_code(), r.header_of("Location")), (301, Some("/new")));
    let r = Response::no_content();
    assert_eq!(r.status_code(), 204);
    assert!(r.headers().is_empty());
    let r = Response::new().body(vec![1, 2, 3]);
    assert_eq!(r.body_bytes(), &vec![1, 2, 3]);
}
