use yaiko::request::{form_pairs, is_ajax, is_json, query_pairs};

fn pair(a: &str, b: &str) -> (String, String) {
    (a.to_string(), b.to_string())
}

#[test]
fn form_pairs_preserve_encoded_delimiters() {
    let form = form_pairs(b"title=fish%26chips&note=a%3Db+c");
    assert_eq!(form, vec![pair("title", "fish&chips"), pair("note", "a=b c")]);
}

#[test]
fn form_pairs_skip_empty_pieces_and_default_values() {
    assert_eq!(form_pairs(b"a=1&&flag&b=x=y"), vec![pair("a", "1"), pair("flag", ""), pair("b", "x=y")]);
    assert_eq!(form_pairs(b""), vec![]);
    assert_eq!(form_pairs(b"n=%E2%9C%93&bad=%FF"), vec![pair("n", "\u{2713}"), pair("bad", "\u{fffd}")]);
}

#[test]
fn query_pairs_need_an_equals_sign_and_keep_plus() {
    assert_eq!(query_pairs("a=1&b&c=x%20y+z"), vec![pair("a", "1"), pair("c", "x y+z")]);
    assert_eq!(query_pairs(""), vec![]);
    assert_eq!(query_pairs("k=&=v"), vec![pair("k", ""), pair("", "v")]);
}

#[test]
fn content_type_and_ajax_detection() {
    assert!(is_json(Some("application/json; charset=utf-8")));
    assert!(!is_json(Some("text/html")));
    assert!(!is_json(None));
    assert!(is_ajax(Some("XMLHttpRequest")));
    assert!(is_ajax(Some("xmlhttprequest")));
    assert!(!is_ajax(Some("fetch")));
    assert!(!is_ajax(None));
}
